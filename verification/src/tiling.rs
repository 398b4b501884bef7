//! Arithmetic of cutting a line of `n` cells into segments of side `s`, and
//! of numbering the cells of a rectangle column by column. Both the blocks of
//! the generator and the chunks of the streamer rest on it.

use vstd::arithmetic::div_mod::{
    lemma_div_is_ordered,
    lemma_div_pos_is_pos,
    lemma_fundamental_div_mod,
    lemma_fundamental_div_mod_converse,
    lemma_mod_pos_bound,
};
use vstd::prelude::*;

verus! {

/// Number of segments of side `s` needed to cover `n` cells.
pub open spec fn segment_count(n: int, s: int) -> int {
    (n + s - 1) / s
}

/// The cell after the last cell of segment `k`: segments end where the line
/// ends.
pub open spec fn segment_end(k: int, s: int, n: int) -> int {
    if k * s + s <= n {
        k * s + s
    } else {
        n
    }
}

/// The segments reach the end of the line, and the last one is not empty.
pub proof fn lemma_segment_count(n: int, s: int)
    requires
        1 <= n,
        1 <= s,
    ensures
        1 <= segment_count(n, s) <= n,
        (segment_count(n, s) - 1) * s < n <= segment_count(n, s) * s,
{
    let c = segment_count(n, s);
    lemma_fundamental_div_mod(n + s - 1, s);
    lemma_mod_pos_bound(n + s - 1, s);
    assert(s * c == c * s) by (nonlinear_arith);
    assert((c - 1) * s == c * s - s) by (nonlinear_arith);
    assert(c >= 1) by {
        if c <= 0 {
            assert(c * s <= 0) by (nonlinear_arith)
                requires
                    c <= 0,
                    s >= 1,
            ;
        }
    }
    assert(c <= n) by {
        if c > n {
            assert(c * s >= n + 1) by (nonlinear_arith)
                requires
                    c >= n + 1,
                    s >= 1,
                    n >= 1,
            ;
            assert((c - 1) * s >= n) by (nonlinear_arith)
                requires
                    c - 1 >= n,
                    s >= 1,
                    n >= 1,
            ;
        }
    }
}

/// Every cell lies in the segment numbered by its quotient, and in no other.
pub proof fn lemma_segment_of_cell(x: int, s: int, n: int)
    requires
        0 <= x < n,
        1 <= s,
    ensures
        0 <= x / s < segment_count(n, s),
        (x / s) * s <= x < segment_end(x / s, s, n),
        x == (x / s) * s + x % s,
        0 <= x % s < s,
{
    let k = x / s;
    lemma_fundamental_div_mod(x, s);
    lemma_mod_pos_bound(x, s);
    lemma_div_pos_is_pos(x, s);
    assert(s * k == k * s) by (nonlinear_arith);
    lemma_segment_count(n, s);
    let c = segment_count(n, s);
    if k >= c {
        assert(k * s >= c * s) by (nonlinear_arith)
            requires
                k >= c,
                s >= 1,
        ;
    }
}

/// A cell that lies in segment `k` has quotient `k`.
pub proof fn lemma_cell_in_segment(x: int, k: int, s: int)
    requires
        1 <= s,
        k * s <= x < k * s + s,
    ensures
        x / s == k,
        x % s == x - k * s,
{
    lemma_fundamental_div_mod_converse(x, s, k, x - k * s);
}

/// Segment `k` of a line starts inside the line exactly when `k` is below the
/// number of segments.
pub proof fn lemma_segment_start(k: int, s: int, n: int)
    requires
        1 <= n,
        1 <= s,
        0 <= k,
    ensures
        k < segment_count(n, s) <==> k * s < n,
        k < segment_count(n, s) ==> k * s < segment_end(k, s, n) <= n,
        0 <= k * s,
{
    lemma_segment_count(n, s);
    let c = segment_count(n, s);
    assert(0 <= k * s) by (nonlinear_arith)
        requires
            0 <= k,
            1 <= s,
    ;
    if k < c {
        assert(k * s <= (c - 1) * s) by (nonlinear_arith)
            requires
                k <= c - 1,
                s >= 1,
        ;
    } else {
        assert(k * s >= c * s) by (nonlinear_arith)
            requires
                k >= c,
                s >= 1,
        ;
    }
}

/// In a rectangle of `h` rows numbered column by column, the cell in column
/// `q`, row `r` has number `q * h + r`, and column and row are read back from
/// the number by division.
pub proof fn lemma_cell_number(q: int, r: int, h: int)
    requires
        0 <= r < h,
    ensures
        (q * h + r) / h == q,
        (q * h + r) % h == r,
{
    lemma_fundamental_div_mod_converse(q * h + r, h, q, r);
}

/// A number below `w * h` names a cell of the rectangle of `w` columns and
/// `h` rows.
pub proof fn lemma_number_names_cell(j: int, w: int, h: int)
    requires
        0 <= j < w * h,
        0 < h,
    ensures
        0 <= j / h < w,
        0 <= j % h < h,
        j == (j / h) * h + j % h,
{
    lemma_fundamental_div_mod(j, h);
    lemma_mod_pos_bound(j, h);
    lemma_div_pos_is_pos(j, h);
    let q = j / h;
    assert(h * q == q * h) by (nonlinear_arith);
    if q >= w {
        assert(q * h >= w * h) by (nonlinear_arith)
            requires
                q >= w,
                h > 0,
        ;
    }
}

/// Quotients keep the order of what is divided.
pub proof fn lemma_quotient_ordered(x: int, y: int, s: int)
    requires
        x <= y,
        0 < s,
    ensures
        x / s <= y / s,
{
    lemma_div_is_ordered(x, y, s);
}

/// The quotient of `value` by `divisor`, rounded towards minus infinity.
pub fn floor_div(value: i64, divisor: i64) -> (quotient: i64)
    requires
        1 <= divisor <= 0x1_0000_0000,
        -0x2_0000_0000 <= value <= 0x2_0000_0000,
    ensures
        quotient == (value as int) / (divisor as int),
        value >= 0 ==> 0 <= quotient <= value,
        value < 0 ==> value <= quotient < 0,
{
    if value >= 0 {
        proof {
            lemma_div_pos_is_pos(value as int, divisor as int);
            lemma_fundamental_div_mod(value as int, divisor as int);
            lemma_mod_pos_bound(value as int, divisor as int);
            let q = (value as int) / (divisor as int);
            assert(divisor * q >= q) by (nonlinear_arith)
                requires
                    divisor >= 1,
                    q >= 0,
            ;
        }
        value / divisor
    } else {
        let up: i64 = (-value + divisor - 1) / divisor;
        proof {
            let raised = (-value + divisor - 1) as int;
            let q = raised / (divisor as int);
            let r = raised % (divisor as int);
            lemma_fundamental_div_mod(raised, divisor as int);
            lemma_mod_pos_bound(raised, divisor as int);
            lemma_div_pos_is_pos(raised, divisor as int);
            assert(divisor * q == q * divisor) by (nonlinear_arith);
            assert((-q) * divisor == -(q * divisor)) by (nonlinear_arith);
            lemma_fundamental_div_mod_converse(value as int, divisor as int, -q, divisor - 1 - r);
            if q >= 1 {
                assert((q - 1) * divisor >= q - 1) by (nonlinear_arith)
                    requires
                        divisor >= 1,
                        q - 1 >= 0,
                ;
                assert((q - 1) * divisor == q * divisor - divisor) by (nonlinear_arith);
            } else {
                assert(q * divisor <= 0) by (nonlinear_arith)
                    requires
                        q <= 0,
                        divisor >= 1,
                ;
            }
        }
        -up
    }
}

} // verus!
