//! The numbering of boards: every arrangement of the nine labels gets its
//! place in the lexicographic order of all arrangements, written in the
//! factorial number system.

use vstd::prelude::*;
use vstd::arithmetic::div_mod::lemma_fundamental_div_mod_converse;

verus! {

/// A full arrangement of the nine cells, row by row from the top left:
/// nine labels below nine, no label twice. Label 0 is the blank.
pub open spec fn is_board(a: Seq<u8>) -> bool {
    &&& a.len() == 9
    &&& forall|i: int| 0 <= i < 9 ==> #[trigger] a[i] < 9
    &&& forall|i: int, j: int| 0 <= i < j < 9 ==> a[i] != a[j]
}

/// Whether the first `k` cells of `a` could begin a board: labels below
/// nine, no label twice.
pub open spec fn is_prefix(a: Seq<u8>, k: int) -> bool {
    &&& 0 <= k <= a.len()
    &&& forall|i: int| 0 <= i < k ==> #[trigger] a[i] < 9
    &&& forall|i: int, j: int| 0 <= i < j < k ==> a[i] != a[j]
}

/// How many of the first `k` cells hold a label below `v`.
pub open spec fn smaller_before(a: Seq<u8>, k: int, v: int) -> int
    decreases k,
{
    if k <= 0 {
        0
    } else {
        smaller_before(a, k - 1, v) + if a[k - 1] < v {
            1int
        } else {
            0int
        }
    }
}

/// Whether label `v` stands in one of the first `k` cells.
pub open spec fn used_before(a: Seq<u8>, k: int, v: int) -> bool {
    exists|j: int| 0 <= j < k && a[j] == v
}

/// How many labels below `v` are still free after the first `k` cells.
pub open spec fn free_below(a: Seq<u8>, k: int, v: int) -> int {
    v - smaller_before(a, k, v)
}

/// The digit of cell `k`: the place of its label among the labels that the
/// cells before it have left free.
pub open spec fn digit(a: Seq<u8>, k: int) -> int {
    free_below(a, k, a[k] as int)
}

/// The number that the digits of the first `n` cells spell, the digit of
/// cell `k` in radix `9 - k`, most significant first.
pub open spec fn rank_prefix(a: Seq<u8>, n: int) -> int
    decreases n,
{
    if n <= 0 {
        0
    } else {
        rank_prefix(a, n - 1) * (10 - n) + digit(a, n - 1)
    }
}

/// The rank of an arrangement: the number that its nine digits spell.
pub open spec fn rank_of(a: Seq<u8>) -> int {
    rank_prefix(a, 9)
}

/// Whether `r` is the rank of some board.
pub open spec fn is_rank(r: int) -> bool {
    exists|a: Seq<u8>| is_board(a) && rank_of(a) == r
}

/// The board with rank `r`.
pub open spec fn board_of(r: int) -> Seq<u8> {
    choose|a: Seq<u8>| is_board(a) && rank_of(a) == r
}

/// The product `9 * 8 * ..` of the first `n` radices.
pub open spec fn radix_product(n: int) -> int
    decreases n,
{
    if n <= 0 {
        1
    } else {
        radix_product(n - 1) * (10 - n)
    }
}

/// The count over the first `k` cells lies between 0 and `k`, and is 0
/// where no label is below the limit.
pub proof fn lemma_smaller_before_bounds(a: Seq<u8>, k: int, v: int)
    requires
        0 <= k,
    ensures
        0 <= smaller_before(a, k, v) <= k,
        v <= 0 ==> smaller_before(a, k, v) == 0,
    decreases k,
{
    if k > 0 {
        lemma_smaller_before_bounds(a, k - 1, v);
    }
}

/// Every label is below nine, so all of the first `k` cells count.
pub proof fn lemma_smaller_before_nine(a: Seq<u8>, k: int)
    requires
        is_prefix(a, k),
    ensures
        smaller_before(a, k, 9) == k,
    decreases k,
{
    if k > 0 {
        lemma_smaller_before_nine(a, k - 1);
        assert(a[k - 1] < 9);
    }
}

/// Raising the limit by one counts one more cell exactly when the old limit
/// is a label among the first `k` cells.
pub proof fn lemma_smaller_before_step(a: Seq<u8>, k: int, v: int)
    requires
        is_prefix(a, k),
    ensures
        smaller_before(a, k, v + 1) == smaller_before(a, k, v) + if used_before(a, k, v) {
            1int
        } else {
            0int
        },
    decreases k,
{
    if k > 0 {
        lemma_smaller_before_step(a, k - 1, v);
        if used_before(a, k - 1, v) {
            let j = choose|j: int| 0 <= j < k - 1 && a[j] == v;
            assert(a[j] != a[k - 1]);
            assert(0 <= j < k && a[j] == v);
        } else if a[k - 1] == v {
            assert(0 <= k - 1 < k && a[k - 1] == v);
        } else {
            assert forall|j: int| 0 <= j < k implies a[j] != v by {
                if j < k - 1 {
                    assert(!(0 <= j < k - 1 && a[j] == v));
                }
            }
        }
    }
}

/// The count of free labels below a limit grows with the limit, and grows
/// strictly across a label that is itself free.
pub proof fn lemma_free_below_monotone(a: Seq<u8>, k: int, u: int, v: int)
    requires
        is_prefix(a, k),
        u <= v,
    ensures
        free_below(a, k, u) <= free_below(a, k, v),
        u < v && !used_before(a, k, u) ==> free_below(a, k, u) < free_below(a, k, v),
    decreases v - u,
{
    if u < v {
        lemma_smaller_before_step(a, k, u);
        lemma_free_below_monotone(a, k, u + 1, v);
    }
}

/// Two free labels with the same number of free labels below them are one label.
pub proof fn lemma_free_slot_unique(a: Seq<u8>, k: int, u: int, v: int)
    requires
        is_prefix(a, k),
        !used_before(a, k, u),
        !used_before(a, k, v),
        free_below(a, k, u) == free_below(a, k, v),
    ensures
        u == v,
{
    if u < v {
        lemma_free_below_monotone(a, k, u, v);
    } else if v < u {
        lemma_free_below_monotone(a, k, v, u);
    }
}

/// The label of cell `k` is none of the labels before it.
pub proof fn lemma_own_label_free(a: Seq<u8>, k: int)
    requires
        is_board(a),
        0 <= k < 9,
    ensures
        !used_before(a, k, a[k] as int),
{
    assert forall|j: int| 0 <= j < k implies a[j] != a[k] by {}
}

/// The digit of cell `k` is a digit of radix `9 - k`.
pub proof fn lemma_digit_bounds(a: Seq<u8>, k: int)
    requires
        is_board(a),
        0 <= k < 9,
    ensures
        0 <= digit(a, k) < 9 - k,
{
    let v = a[k] as int;
    assert(a[k] < 9);
    lemma_own_label_free(a, k);
    lemma_smaller_before_bounds(a, k, 0);
    lemma_free_below_monotone(a, k, 0, v);
    lemma_smaller_before_nine(a, k);
    lemma_free_below_monotone(a, k, v, 9);
}

/// The products of the radices, from none of them to all nine.
pub proof fn lemma_radix_products()
    ensures
        radix_product(0) == 1,
        radix_product(1) == 9,
        radix_product(2) == 72,
        radix_product(3) == 504,
        radix_product(4) == 3024,
        radix_product(5) == 15120,
        radix_product(6) == 60480,
        radix_product(7) == 181440,
        radix_product(8) == 362880,
        radix_product(9) == 362880,
{
    assert(radix_product(0) == 1);
    assert(radix_product(1) == radix_product(0) * 9);
    assert(radix_product(2) == radix_product(1) * 8);
    assert(radix_product(3) == radix_product(2) * 7);
    assert(radix_product(4) == radix_product(3) * 6);
    assert(radix_product(5) == radix_product(4) * 5);
    assert(radix_product(6) == radix_product(5) * 4);
    assert(radix_product(7) == radix_product(6) * 3);
    assert(radix_product(8) == radix_product(7) * 2);
    assert(radix_product(9) == radix_product(8) * 1);
}

/// The first `n` digits spell a number below the product of their radices.
pub proof fn lemma_rank_prefix_bounds(a: Seq<u8>, n: int)
    requires
        is_board(a),
        0 <= n <= 9,
    ensures
        0 <= rank_prefix(a, n) < radix_product(n),
        1 <= radix_product(n) <= 362880,
    decreases n,
{
    lemma_radix_products();
    if n > 0 {
        lemma_rank_prefix_bounds(a, n - 1);
        lemma_digit_bounds(a, n - 1);
        let p = rank_prefix(a, n - 1);
        let q = radix_product(n - 1);
        let m = 10 - n;
        assert(radix_product(n) == q * m);
        assert(p * m + digit(a, n - 1) < q * m) by (nonlinear_arith)
            requires
                0 <= p < q,
                0 <= digit(a, n - 1) < m,
        ;
        assert(0 <= p * m) by (nonlinear_arith)
            requires
                0 <= p,
                0 < m,
        ;
    }
}

/// The rank of a board is below `9!`.
pub proof fn lemma_rank_bounds(a: Seq<u8>)
    requires
        is_board(a),
    ensures
        0 <= rank_of(a) < 362880,
{
    lemma_rank_prefix_bounds(a, 9);
    lemma_radix_products();
}

/// The count over the first `k` cells goes by those cells alone.
proof fn lemma_smaller_before_same_prefix(a: Seq<u8>, b: Seq<u8>, k: int, v: int)
    requires
        0 <= k,
        forall|j: int| 0 <= j < k ==> a[j] == b[j],
    ensures
        smaller_before(a, k, v) == smaller_before(b, k, v),
    decreases k,
{
    if k > 0 {
        lemma_smaller_before_same_prefix(a, b, k - 1, v);
    }
}

/// Two boards whose first `n` digits spell one number have the same
/// first `n` digits.
proof fn lemma_equal_prefix_equal_digits(a: Seq<u8>, b: Seq<u8>, n: int)
    requires
        is_board(a),
        is_board(b),
        0 <= n <= 9,
        rank_prefix(a, n) == rank_prefix(b, n),
    ensures
        forall|k: int| 0 <= k < n ==> digit(a, k) == digit(b, k),
    decreases n,
{
    if n > 0 {
        lemma_digit_bounds(a, n - 1);
        lemma_digit_bounds(b, n - 1);
        let m = 10 - n;
        let x = rank_prefix(a, n);
        lemma_fundamental_div_mod_converse(x, m, rank_prefix(a, n - 1), digit(a, n - 1));
        lemma_fundamental_div_mod_converse(x, m, rank_prefix(b, n - 1), digit(b, n - 1));
        lemma_equal_prefix_equal_digits(a, b, n - 1);
    }
}

/// Two boards with the same first `n` digits have the same first `n` cells.
proof fn lemma_equal_digits_equal_cells(a: Seq<u8>, b: Seq<u8>, n: int)
    requires
        is_board(a),
        is_board(b),
        0 <= n <= 9,
        forall|k: int| 0 <= k < n ==> digit(a, k) == digit(b, k),
    ensures
        forall|k: int| 0 <= k < n ==> a[k] == b[k],
    decreases n,
{
    if n > 0 {
        let k = n - 1;
        lemma_equal_digits_equal_cells(a, b, k);
        lemma_own_label_free(a, k);
        lemma_own_label_free(b, k);
        let u = a[k] as int;
        let v = b[k] as int;
        assert(!used_before(a, k, v)) by {
            assert forall|j: int| 0 <= j < k implies a[j] != v by {
                assert(b[j] != b[k]);
            }
        }
        lemma_smaller_before_same_prefix(a, b, k, v);
        assert(digit(a, k) == digit(b, k));
        lemma_free_slot_unique(a, k, u, v);
    }
}

/// Two boards with one rank are one board.
pub proof fn lemma_rank_injective(a: Seq<u8>, b: Seq<u8>)
    requires
        is_board(a),
        is_board(b),
        rank_of(a) == rank_of(b),
    ensures
        a == b,
{
    lemma_equal_prefix_equal_digits(a, b, 9);
    lemma_equal_digits_equal_cells(a, b, 9);
    assert(a =~= b);
}

/// Numbering a board and reading the number back gives the board again,
/// and the number is below `9!`.
pub proof fn lemma_board_of_rank(a: Seq<u8>)
    requires
        is_board(a),
    ensures
        is_rank(rank_of(a)),
        0 <= rank_of(a) < 362880,
        board_of(rank_of(a)) == a,
{
    lemma_rank_bounds(a);
    let b = board_of(rank_of(a));
    assert(is_board(b) && rank_of(b) == rank_of(a));
    lemma_rank_injective(a, b);
}

/// Reading a rank as a board and numbering the board gives the rank again.
pub proof fn lemma_rank_of_board(r: int)
    requires
        is_rank(r),
    ensures
        is_board(board_of(r)),
        rank_of(board_of(r)) == r,
        0 <= r < 362880,
{
    lemma_rank_bounds(board_of(r));
}

/// What is left of rank `r` above the digits of cells `n..9`: the number
/// that the digits of the first `n` cells spell.
pub open spec fn rank_head(r: int, n: int) -> int
    decreases 9 - n,
{
    if n >= 9 {
        r
    } else {
        rank_head(r, n + 1) / (9 - n)
    }
}

/// The digit of cell `k` in rank `r`.
pub open spec fn rank_digit(r: int, k: int) -> int {
    rank_head(r, k + 1) % (9 - k)
}

/// The free label that has `d` free labels below it after the first `k`
/// cells of `a`.
pub open spec fn free_slot(a: Seq<u8>, k: int, d: int) -> int {
    choose|v: int| 0 <= v < 9 && !used_before(a, k, v) && free_below(a, k, v) == d
}

/// The first `k` cells of the board with the digits of rank `r`: each cell
/// takes the free label that its digit counts to.
pub open spec fn arranged(r: int, k: int) -> Seq<u8>
    decreases k,
{
    if k <= 0 {
        Seq::empty()
    } else {
        let before = arranged(r, k - 1);
        before.push(free_slot(before, k - 1, rank_digit(r, k - 1)) as u8)
    }
}

/// From a limit with at most `d` free labels below it, the search upwards
/// comes to a free label with exactly `d` free labels below it.
proof fn lemma_free_slot_search(a: Seq<u8>, k: int, d: int, v: int)
    requires
        is_prefix(a, k),
        0 <= v <= 9,
        free_below(a, k, v) <= d < 9 - k,
    ensures
        exists|w: int| 0 <= w < 9 && !used_before(a, k, w) && free_below(a, k, w) == d,
    decreases 9 - v,
{
    lemma_smaller_before_nine(a, k);
    if v < 9 {
        lemma_smaller_before_step(a, k, v);
        if !used_before(a, k, v) && free_below(a, k, v) == d {
        } else {
            lemma_free_slot_search(a, k, d, v + 1);
        }
    }
}

/// After `k` cells, each number below `9 - k` is the count of free labels
/// below some free label.
pub proof fn lemma_free_slot(a: Seq<u8>, k: int, d: int)
    requires
        is_prefix(a, k),
        0 <= d < 9 - k,
    ensures
        0 <= free_slot(a, k, d) < 9,
        !used_before(a, k, free_slot(a, k, d)),
        free_below(a, k, free_slot(a, k, d)) == d,
{
    lemma_smaller_before_bounds(a, k, 0);
    lemma_free_slot_search(a, k, d, 0);
}

/// The cells that the digits of a rank arrange begin a board, and their
/// digits are those of the rank.
pub proof fn lemma_arranged(r: int, k: int)
    requires
        0 <= k <= 9,
    ensures
        arranged(r, k).len() == k,
        is_prefix(arranged(r, k), k),
        forall|j: int| 0 <= j < k ==> #[trigger] digit(arranged(r, k), j) == rank_digit(r, j),
    decreases k,
{
    if k > 0 {
        let before = arranged(r, k - 1);
        let d = rank_digit(r, k - 1);
        let v = free_slot(before, k - 1, d);
        let a = arranged(r, k);
        lemma_arranged(r, k - 1);
        lemma_free_slot(before, k - 1, d);
        assert(a == before.push(v as u8));
        assert forall|i: int, j: int| 0 <= i < j < k implies a[i] != a[j] by {
            if j == k - 1 {
                assert(!(0 <= i < k - 1 && before[i] == v));
            } else {
                assert(before[i] != before[j]);
            }
        }
        assert forall|j: int| 0 <= j < k implies #[trigger] digit(a, j) == rank_digit(r, j) by {
            lemma_smaller_before_same_prefix(a, before, j, a[j] as int);
            if j < k - 1 {
                assert(digit(before, j) == rank_digit(r, j));
            }
        }
    }
}

/// The first `n` digits of the board that a rank arranges spell what is
/// left of the rank above the other digits.
proof fn lemma_arranged_rank(r: int, n: int)
    requires
        0 <= r < 362880,
        0 <= n <= 9,
    ensures
        rank_prefix(arranged(r, 9), n) == rank_head(r, n),
    decreases n,
{
    let a = arranged(r, 9);
    lemma_arranged(r, 9);
    if n == 0 {
        reveal_with_fuel(rank_head, 10);
        assert(rank_head(r, 8) == r);
        assert(rank_head(r, 7) < 181440);
        assert(rank_head(r, 6) < 60480);
        assert(rank_head(r, 5) < 15120);
        assert(rank_head(r, 4) < 3024);
        assert(rank_head(r, 3) < 504);
        assert(rank_head(r, 2) < 72);
        assert(rank_head(r, 1) < 9);
        assert(rank_head(r, 0) == 0);
    } else {
        lemma_arranged_rank(r, n - 1);
        assert(digit(a, n - 1) == rank_digit(r, n - 1));
        vstd::arithmetic::div_mod::lemma_fundamental_div_mod(rank_head(r, n), 10 - n);
        assert(rank_head(r, n - 1) * (10 - n) == (10 - n) * rank_head(r, n - 1))
            by (nonlinear_arith);
    }
}

/// Every number below `9!` is the rank of a board.
pub proof fn lemma_every_rank(r: int)
    requires
        0 <= r < 362880,
    ensures
        is_rank(r),
        is_board(arranged(r, 9)),
        rank_of(arranged(r, 9)) == r,
        board_of(r) == arranged(r, 9),
{
    lemma_arranged(r, 9);
    lemma_arranged_rank(r, 9);
    let a = arranged(r, 9);
    assert(is_board(a));
    lemma_board_of_rank(a);
}

/// The ranks of the boards are the numbers below `9!`.
pub proof fn lemma_ranks(r: int)
    ensures
        is_rank(r) <==> 0 <= r < 362880,
{
    if is_rank(r) {
        lemma_rank_of_board(r);
    }
    if 0 <= r < 362880 {
        lemma_every_rank(r);
    }
}

/// A board holds every label: the nine cells leave none of the nine free.
pub proof fn lemma_board_holds_label(a: Seq<u8>, v: int)
    requires
        is_board(a),
        0 <= v < 9,
    ensures
        used_before(a, 9, v),
{
    if !used_before(a, 9, v) {
        lemma_smaller_before_bounds(a, 9, 0);
        lemma_free_below_monotone(a, 9, 0, v);
        lemma_free_below_monotone(a, 9, v, 9);
        lemma_smaller_before_nine(a, 9);
    }
}

} // verus!
